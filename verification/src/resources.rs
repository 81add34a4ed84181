use std::collections::HashMap;
use vstd::hash_map::StringHashMap;
use vstd::prelude::*;

verus! {

broadcast use vstd::std_specs::hash::group_hash_axioms;

/// The id that the latest insertion of `path` received, when `inserted`
/// lists the paths of all insertions in order and they were numbered from
/// 1; 0 when `path` was never inserted.
pub open spec fn latest_insert(inserted: Seq<Seq<char>>, path: Seq<char>) -> nat
    decreases inserted.len(),
{
    if inserted.len() == 0 {
        0
    } else if inserted.last() == path {
        inserted.len()
    } else {
        latest_insert(inserted.drop_last(), path)
    }
}

/// `latest_insert` names the last insertion of the path: it is 0 exactly
/// when the path was never inserted, and otherwise the insertion with that
/// number used the path and no later one did.
pub proof fn lemma_latest_insert(inserted: Seq<Seq<char>>, path: Seq<char>)
    ensures
        latest_insert(inserted, path) <= inserted.len(),
        latest_insert(inserted, path) == 0 <==> !inserted.contains(path),
        latest_insert(inserted, path) > 0 ==> {
            let i = latest_insert(inserted, path) as int;
            &&& inserted[i - 1] == path
            &&& forall|j: int| i <= j < inserted.len() ==> inserted[j] != path
        },
    decreases inserted.len(),
{
    if inserted.len() > 0 {
        let rest = inserted.drop_last();
        lemma_latest_insert(rest, path);
        if inserted.last() != path {
            if rest.contains(path) {
                let k = choose|k: int| 0 <= k < rest.len() && rest[k] == path;
                assert(inserted[k] == path);
            }
            if inserted.contains(path) {
                let k = choose|k: int| 0 <= k < inserted.len() && inserted[k] == path;
                assert(rest[k] == path);
            }
            if latest_insert(rest, path) > 0 {
                let i = latest_insert(rest, path) as int;
                assert(inserted[i - 1] == rest[i - 1]);
                assert forall|j: int| i <= j < inserted.len() implies inserted[j] != path by {
                    if j < rest.len() {
                        assert(inserted[j] == rest[j]);
                    }
                }
            }
        } else {
            assert(inserted[inserted.len() - 1] == path);
        }
    }
}

/// The ids from 1 to `n`.
pub open spec fn id_range(n: nat) -> Set<usize> {
    Set::new(|id: usize| 1 <= id <= n)
}

/// A store of loaded assets. Each insertion gets a fresh id, counting up
/// from 1, and records under which path the asset was loaded.
pub struct AssetCache<T> {
    assets: HashMap<usize, T>,
    path_map: StringHashMap<usize>,
    next_id: usize,
    inserted: Ghost<Seq<Seq<char>>>,
}

impl<T> AssetCache<T> {
    /// The stored assets, by id.
    pub closed spec fn assets(self) -> Map<usize, T> {
        self.assets@
    }

    /// The id recorded for each path.
    pub closed spec fn paths(self) -> Map<Seq<char>, usize> {
        self.path_map@
    }

    /// The id handed out by the latest insertion (0 before any).
    pub closed spec fn last_id(self) -> nat {
        self.next_id as nat
    }

    /// The paths of all insertions since the cache was made, in order; the
    /// insertion at position `i` received id `i + 1`.
    pub closed spec fn inserted(self) -> Seq<Seq<char>> {
        self.inserted@
    }

    /// The latest id counts the insertions, the stored ids are exactly 1 to
    /// that count, and each path is recorded, with the id of its latest
    /// insertion, exactly when it was inserted.
    pub open spec fn wf(self) -> bool {
        &&& self.last_id() == self.inserted().len()
        &&& self.assets().dom() == id_range(self.last_id())
        &&& forall|p: Seq<char>|
            #![trigger self.paths().contains_key(p)]
            #![trigger latest_insert(self.inserted(), p)]
            self.paths().contains_key(p) <==> latest_insert(self.inserted(), p) > 0
        &&& forall|p: Seq<char>| #[trigger]
            self.paths().contains_key(p) ==> self.paths()[p] == latest_insert(self.inserted(), p)
    }

    /// An empty cache.
    pub fn new() -> (r: Self)
        ensures
            r.assets() == Map::<usize, T>::empty(),
            r.paths() == Map::<Seq<char>, usize>::empty(),
            r.last_id() == 0,
            r.inserted() == Seq::<Seq<char>>::empty(),
            r.wf(),
    {
        let r = AssetCache {
            assets: HashMap::new(),
            path_map: StringHashMap::new(),
            next_id: 0,
            inserted: Ghost(Seq::empty()),
        };
        assert(r.assets().dom() =~= id_range(0));
        r
    }

    /// Advances the id counter and returns the new id.
    fn current_id(&mut self) -> (id: usize)
        requires
            old(self).last_id() < usize::MAX,
        ensures
            id == old(self).last_id() + 1,
            final(self).last_id() == id,
            final(self).assets() == old(self).assets(),
            final(self).paths() == old(self).paths(),
            final(self).inserted() == old(self).inserted(),
    {
        self.next_id = self.next_id + 1;
        self.next_id
    }

    /// The id handed out by the latest insertion (0 before any); an
    /// insertion needs it to be below `usize::MAX`.
    pub fn last_issued_id(&self) -> (n: usize)
        ensures
            n == self.last_id(),
    {
        self.next_id
    }

    /// The id under which `path` was last inserted, if any.
    pub fn get_id(&self, path: &str) -> (r: Option<usize>)
        requires
            self.wf(),
        ensures
            r == (if self.paths().contains_key(path@) {
                Some(self.paths()[path@])
            } else {
                None
            }),
            r == (if latest_insert(self.inserted(), path@) > 0 {
                Some(latest_insert(self.inserted(), path@) as usize)
            } else {
                None
            }),
            r matches Some(id) ==> self.assets().contains_key(id),
    {
        match self.path_map.get(path) {
            Some(id) => {
                assert(self.paths().contains_key(path@));
                proof {
                    lemma_latest_insert(self.inserted(), path@);
                    assert(id_range(self.last_id()).contains(*id));
                }
                Some(*id)
            },
            None => {
                assert(!self.paths().contains_key(path@));
                None
            },
        }
    }

    /// The asset stored under `id`, if any.
    pub fn get(&self, id: usize) -> (r: Option<&T>)
        ensures
            match r {
                Some(a) => self.assets().contains_key(id) && *a == self.assets()[id],
                None => !self.assets().contains_key(id),
            },
    {
        self.assets.get(&id)
    }

    /// Mutable access to the asset stored under `id`, if any. What is
    /// written through the reference becomes the asset under `id`; nothing
    /// else changes.
    pub fn get_mut(&mut self, id: usize) -> (r: Option<&mut T>)
        requires
            old(self).wf(),
        ensures
            match r {
                Some(a) => {
                    &&& old(self).assets().contains_key(id)
                    &&& *a == old(self).assets()[id]
                    &&& final(self).assets() == old(self).assets().insert(id, *final(a))
                },
                None => {
                    &&& !old(self).assets().contains_key(id)
                    &&& final(self).assets() == old(self).assets()
                },
            },
            final(self).paths() == old(self).paths(),
            final(self).last_id() == old(self).last_id(),
            final(self).inserted() == old(self).inserted(),
            final(self).assets().dom() == old(self).assets().dom(),
            final(self).wf(),
    {
        match self.assets.entry(id) {
            std::collections::hash_map::Entry::Occupied(e) => {
                let a = e.into_mut();
                assert(old(self).assets().insert(id, *final(a)).dom() =~= old(self).assets().dom());
                Some(a)
            },
            std::collections::hash_map::Entry::Vacant(e) => {
                proof {
                    assert(has_resolved(e));
                    assert(old(self).assets().remove(id) =~= old(self).assets());
                }
                None
            },
        }
    }

    /// Stores `asset` under a fresh id, records that id for `path` and
    /// returns it. The fresh id is one more than the latest id handed out,
    /// larger than every stored id, so no asset already stored is replaced.
    pub fn insert(&mut self, path: &str, asset: T) -> (id: usize)
        requires
            old(self).wf(),
            old(self).last_id() < usize::MAX,
        ensures
            id == old(self).last_id() + 1,
            final(self).last_id() == id,
            !old(self).assets().contains_key(id),
            forall|i: usize| #[trigger] old(self).assets().contains_key(i) ==> i < id,
            final(self).assets() == old(self).assets().insert(id, asset),
            final(self).paths() == old(self).paths().insert(path@, id),
            final(self).inserted() == old(self).inserted().push(path@),
            final(self).wf(),
    {
        let id = self.current_id();
        self.assets.insert(id, asset);
        self.path_map.insert(path.to_string(), id);
        self.inserted = Ghost(self.inserted@.push(path@));
        proof {
            assert(self.assets().dom() =~= id_range(self.last_id()));
            let h = old(self).inserted();
            let h2 = self.inserted();
            assert(h2.drop_last() =~= h);
            assert forall|p: Seq<char>| #[trigger]
                latest_insert(h2, p) == (if p == path@ {
                    id as nat
                } else {
                    latest_insert(h, p)
                }) by {
                assert(h2.last() == path@);
            }
            assert forall|p: Seq<char>| #[trigger]
                self.paths().contains_key(p) <==> latest_insert(self.inserted(), p) > 0 by {
                assert(latest_insert(h2, p) == (if p == path@ {
                    id as nat
                } else {
                    latest_insert(h, p)
                }));
                if p != path@ {
                    assert(old(self).paths().contains_key(p) <==> latest_insert(h, p) > 0);
                }
            }
            assert forall|p: Seq<char>| #[trigger]
                self.paths().contains_key(p) implies self.paths()[p] == latest_insert(
                self.inserted(),
                p,
            ) by {
                assert(latest_insert(h2, p) == (if p == path@ {
                    id as nat
                } else {
                    latest_insert(h, p)
                }));
            }
        }
        id
    }
}

} // verus!
