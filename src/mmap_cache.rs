//! The cache of mapped files of the file-backed directory. It holds a weak
//! handle per path, so that it never keeps a mapping alive by itself: a
//! lookup is a hit only if the handle still leads to a live mapping, and a
//! handle that does not is evicted.
use vstd::prelude::*;

verus! {

/// How often the cache spared a mapping, and how often it did not.
#[derive(Clone, Copy, Debug, PartialEq, Eq, Structural)]
pub struct CacheCounters {
    /// Lookups answered from the cache.
    pub hit: usize,
    /// Lookups that had to map the file.
    pub miss: usize,
}

/// A snapshot of the cache: its counters and the paths it holds a handle for.
#[derive(Debug)]
pub struct CacheInfo {
    pub counters: CacheCounters,
    pub mmapped: Vec<String>,
}

/// Whether a path differs from `path`.
pub open spec fn other_than(path: Seq<char>) -> spec_fn(Seq<char>) -> bool {
    |p: Seq<char>| p != path
}

/// The views of a list of strings.
pub open spec fn string_views(v: Seq<String>) -> Seq<Seq<char>> {
    v.map_values(|p: String| p@)
}

/// The paths of a list of entries.
pub open spec fn entry_paths<W>(entries: Seq<(String, W)>) -> Seq<Seq<char>> {
    entries.map_values(|e: (String, W)| e.0@)
}

/// A cache from paths to weak handles `W` on mapped files.
#[derive(Debug)]
pub struct MmapCache<W> {
    counters: CacheCounters,
    cache: Vec<(String, W)>,
}

impl<W> MmapCache<W> {
    /// The paths that the cache holds a handle for, oldest first.
    pub closed spec fn paths(&self) -> Seq<Seq<char>> {
        entry_paths(self.cache@)
    }

    /// The handles held, in the order of `paths()`.
    pub closed spec fn handles(&self) -> Seq<W> {
        self.cache@.map_values(|e: (String, W)| e.1)
    }

    /// The handle held for the path at position `i` of `paths()`.
    pub closed spec fn handle(&self, i: int) -> W {
        self.cache@[i].1
    }

    /// The counters.
    pub closed spec fn counters_spec(&self) -> CacheCounters {
        self.counters
    }

    /// No path is held twice.
    pub open spec fn wf(&self) -> bool {
        self.paths().no_duplicates()
    }

    /// An empty cache with both counters at zero.
    pub fn new() -> (r: MmapCache<W>)
        ensures
            r.wf(),
            r.paths().len() == 0,
            r.counters_spec() == (CacheCounters { hit: 0, miss: 0 }),
    {
        let r = MmapCache { counters: CacheCounters { hit: 0, miss: 0 }, cache: Vec::new() };
        assert(r.paths() =~= Seq::<Seq<char>>::empty());
        r
    }

    /// The counters.
    pub fn counters(&self) -> (r: CacheCounters)
        ensures
            r == self.counters_spec(),
    {
        self.counters
    }

    /// The counters and the paths held.
    pub fn get_info(&self) -> (r: CacheInfo)
        ensures
            r.counters == self.counters_spec(),
            string_views(r.mmapped@) == self.paths(),
    {
        let mut paths: Vec<String> = Vec::new();
        let mut i: usize = 0;
        while i < self.cache.len()
            invariant
                0 <= i <= self.cache@.len(),
                string_views(paths@) == self.paths().take(i as int),
            decreases self.cache@.len() - i,
        {
            let p = self.cache[i].0.clone();
            assert(p@ == self.cache@[i as int].0@);
            let ghost old_paths = paths@;
            paths.push(p);
            proof {
                assert(string_views(paths@) =~= string_views(old_paths).push(p@));
                assert(self.paths().take(i + 1) =~= self.paths().take(i as int).push(self.paths()[i as int]));
            }
            i = i + 1;
        }
        assert(self.paths().take(i as int) =~= self.paths());
        CacheInfo { counters: self.counters, mmapped: paths }
    }

    /// The position of `path` among the held paths, if it is held.
    fn find(&self, path: &String) -> (r: Option<usize>)
        requires
            self.wf(),
        ensures
            r matches Some(i) ==> i < self.paths().len() && self.paths()[i as int] == path@,
            r is None ==> !self.paths().contains(path@),
    {
        let mut i: usize = 0;
        while i < self.cache.len()
            invariant
                0 <= i <= self.cache@.len(),
                forall|j: int| 0 <= j < i ==> self.paths()[j] != path@,
            decreases self.cache@.len() - i,
        {
            if self.cache[i].0 == *path {
                return Some(i);
            }
            i = i + 1;
        }
        None
    }

    /// Looks `path` up. If a handle is held for it and `upgrade` turns that
    /// handle into a live mapping, that mapping is returned and counted as a
    /// hit. Otherwise the handle, if any, is evicted, the lookup is counted
    /// as a miss, and `None` tells the caller to map the file and `insert`
    /// a handle on it.
    pub fn get_mmap<A, F: Fn(&W) -> Option<A>>(&mut self, path: &String, upgrade: F) -> (r: Option<A>)
        requires
            old(self).wf(),
            old(self).counters_spec().hit < usize::MAX,
            old(self).counters_spec().miss < usize::MAX,
            forall|w: &W| upgrade.requires((w,)),
        ensures
            final(self).wf(),
            r is Some ==> {
                &&& exists|i: int| 0 <= i < old(self).paths().len() && old(self).paths()[i] == path@
                    && upgrade.ensures((&old(self).handle(i),), r)
                &&& final(self).paths() == old(self).paths()
                &&& final(self).handles() == old(self).handles()
                &&& final(self).counters_spec() == (CacheCounters { hit: (old(self).counters_spec().hit + 1) as usize, ..old(self).counters_spec() })
            },
            r is None ==> {
                &&& final(self).paths() == old(self).paths().filter(other_than(path@))
                &&& final(self).counters_spec() == (CacheCounters { miss: (old(self).counters_spec().miss + 1) as usize, ..old(self).counters_spec() })
                &&& forall|i: int| 0 <= i < old(self).paths().len() && old(self).paths()[i] == path@
                    ==> upgrade.ensures((&old(self).handle(i),), None::<A>)
                &&& forall|k: int| 0 <= k < old(self).paths().len() && old(self).paths()[k] == path@ ==> {
                    &&& final(self).paths() == old(self).paths().remove(k)
                    &&& final(self).handles() == old(self).handles().remove(k)
                }
                &&& !old(self).paths().contains(path@) ==> {
                    &&& final(self).paths() == old(self).paths()
                    &&& final(self).handles() == old(self).handles()
                }
            },
    {
        match self.find(path) {
            Some(i) => {
                let ghost before = self.cache@;
                let upgraded = upgrade(&self.cache[i].1);
                assert(upgrade.ensures((&before[i as int].1,), upgraded));
                match upgraded {
                    Some(mapping) => {
                        self.counters.hit = self.counters.hit + 1;
                        return Some(mapping);
                    },
                    None => {
                        self.cache.remove(i);
                        proof {
                            assert forall|j: int| 0 <= j < before.len() && entry_paths(before)[j] == path@ implies j == i by {
                                if j != i {
                                    assert(entry_paths(before)[j] == entry_paths(before)[i as int]);
                                }
                            }
                            lemma_remove_filter(before, i as int, path@);
                            assert(self.paths() == entry_paths(before).filter(other_than(path@)));
                            assert forall|j: int| 0 <= j < before.len() && entry_paths(before)[j] == path@
                                implies upgrade.ensures((&before[j].1,), None::<A>) by {
                                assert(j == i);
                            }
                            assert(self.handles() =~= before.map_values(|e: (String, W)| e.1).remove(i as int));
                            assert(self.paths() =~= entry_paths(before).remove(i as int));
                        }
                    },
                }
            },
            None => {
                proof {
                    lemma_filter_absent(self.cache@, path@);
                }
            },
        }
        self.counters.miss = self.counters.miss + 1;
        None
    }

    /// Holds `handle` for `path`, which the cache does not hold yet.
    pub fn insert(&mut self, path: String, handle: W)
        requires
            old(self).wf(),
            !old(self).paths().contains(path@),
        ensures
            final(self).wf(),
            final(self).paths() == old(self).paths().push(path@),
            final(self).handle(old(self).paths().len() as int) == handle,
            final(self).handles() == old(self).handles().push(handle),
            final(self).counters_spec() == old(self).counters_spec(),
    {
        let ghost p = path@;
        self.cache.push((path, handle));
        proof {
            assert(self.paths() =~= old(self).paths().push(p));
            assert(self.handles() =~= old(self).handles().push(handle));
        }
    }
}

proof fn lemma_filter_absent<W>(entries: Seq<(String, W)>, path: Seq<char>)
    requires
        !entry_paths(entries).contains(path),
    ensures
        entry_paths(entries).filter(other_than(path)) == entry_paths(entries),
    decreases entries.len(),
{
    let ps = entry_paths(entries);
    if entries.len() > 0 {
        let rest = entries.drop_last();
        assert(entry_paths(rest) =~= ps.drop_last());
        assert(!entry_paths(rest).contains(path)) by {
            if entry_paths(rest).contains(path) {
                let k = choose|k: int| 0 <= k < entry_paths(rest).len() && entry_paths(rest)[k] == path;
                assert(ps[k] == path);
            }
        }
        lemma_filter_absent(rest, path);
        assert(ps =~= ps.drop_last().push(ps.last()));
        ps.drop_last().lemma_filter_push(ps.last(), other_than(path));
        assert(ps.last() != path) by {
            assert(ps[ps.len() - 1] == ps.last());
        }
    } else {
        assert(ps.filter(other_than(path)) =~= ps);
    }
}

proof fn lemma_remove_filter<W>(before: Seq<(String, W)>, i: int, path: Seq<char>)
    requires
        0 <= i < before.len(),
        entry_paths(before)[i] == path,
        forall|j: int| 0 <= j < before.len() && entry_paths(before)[j] == path ==> j == i,
    ensures
        entry_paths(before.remove(i)) == entry_paths(before).filter(other_than(path)),
        entry_paths(before.remove(i)) == entry_paths(before).remove(i),
{
    let ps = entry_paths(before);
    assert(entry_paths(before.remove(i)) =~= ps.remove(i));
    let left = ps.take(i);
    let right = ps.skip(i + 1);
    assert(ps =~= left + seq![path] + right);
    assert(ps.remove(i) =~= left + right);
    assert(!left.contains(path)) by {
        if left.contains(path) {
            let k = choose|k: int| 0 <= k < left.len() && left[k] == path;
            assert(ps[k] == path);
        }
    }
    assert(!right.contains(path)) by {
        if right.contains(path) {
            let k = choose|k: int| 0 <= k < right.len() && right[k] == path;
            assert(ps[i + 1 + k] == path);
        }
    }
    let f = other_than(path);
    Seq::filter_distributes_over_add(left + seq![path], right, f);
    Seq::filter_distributes_over_add(left, seq![path], f);
    lemma_filter_keeps_all(left, path);
    lemma_filter_keeps_all(right, path);
    assert(seq![path].filter(f) =~= Seq::<Seq<char>>::empty()) by {
        reveal_with_fuel(Seq::filter, 2);
    }
}

proof fn lemma_filter_keeps_all(s: Seq<Seq<char>>, path: Seq<char>)
    requires
        !s.contains(path),
    ensures
        s.filter(other_than(path)) == s,
    decreases s.len(),
{
    if s.len() > 0 {
        let rest = s.drop_last();
        assert(!rest.contains(path)) by {
            if rest.contains(path) {
                let k = choose|k: int| 0 <= k < rest.len() && rest[k] == path;
                assert(s[k] == path);
            }
        }
        lemma_filter_keeps_all(rest, path);
        assert(s =~= rest.push(s.last()));
        rest.lemma_filter_push(s.last(), other_than(path));
        assert(s.last() != path) by {
            assert(s[s.len() - 1] == s.last());
        }
    } else {
        assert(s.filter(other_than(path)) =~= s);
    }
}

} // verus!
