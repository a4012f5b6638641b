use vstd::prelude::*;

verus! {

/// The map described by an association list, later entries winning.
pub open spec fn map_of<V>(entries: Seq<(u32, V)>) -> Map<u32, V>
    decreases entries.len(),
{
    if entries.len() == 0 {
        Map::empty()
    } else {
        map_of(entries.drop_last()).insert(entries.last().0, entries.last().1)
    }
}

/// No two entries share a key.
pub open spec fn unique_keys<V>(entries: Seq<(u32, V)>) -> bool {
    forall|j1: int, j2: int|
        0 <= j1 < j2 < entries.len() ==> (#[trigger] entries[j1]).0 != (#[trigger] entries[j2]).0
}

pub proof fn lemma_map_of_dom<V>(entries: Seq<(u32, V)>, k: u32)
    ensures
        map_of(entries).dom().contains(k) <==> exists|j: int|
            0 <= j < entries.len() && (#[trigger] entries[j]).0 == k,
    decreases entries.len(),
{
    if entries.len() > 0 {
        lemma_map_of_dom(entries.drop_last(), k);
        if entries.last().0 == k {
            assert(entries[entries.len() - 1].0 == k);
        } else if map_of(entries).dom().contains(k) {
            let j = choose|j: int|
                0 <= j < entries.drop_last().len() && (#[trigger] entries.drop_last()[j]).0 == k;
            assert(entries[j].0 == k);
        } else {
            if exists|j: int| 0 <= j < entries.len() && (#[trigger] entries[j]).0 == k {
                let j = choose|j: int| 0 <= j < entries.len() && (#[trigger] entries[j]).0 == k;
                assert(entries.drop_last()[j].0 == k);
            }
        }
    }
}

pub proof fn lemma_map_of_get<V>(entries: Seq<(u32, V)>, j: int)
    requires
        unique_keys(entries),
        0 <= j < entries.len(),
    ensures
        map_of(entries).dom().contains(entries[j].0),
        map_of(entries)[entries[j].0] == entries[j].1,
    decreases entries.len(),
{
    if j == entries.len() - 1 {
    } else {
        lemma_map_of_get(entries.drop_last(), j);
        assert(entries.drop_last()[j] == entries[j]);
        assert(entries[j].0 != entries.last().0);
    }
}

pub proof fn lemma_map_of_dom_len<V>(entries: Seq<(u32, V)>)
    requires
        unique_keys(entries),
    ensures
        map_of(entries).dom().finite(),
        map_of(entries).dom().len() == entries.len(),
    decreases entries.len(),
{
    if entries.len() > 0 {
        lemma_map_of_dom_len(entries.drop_last());
        lemma_map_of_dom(entries.drop_last(), entries.last().0);
        assert(!map_of(entries.drop_last()).dom().contains(entries.last().0));
    }
}

proof fn lemma_map_of_update<V>(entries: Seq<(u32, V)>, j: int, v: V)
    requires
        unique_keys(entries),
        0 <= j < entries.len(),
    ensures
        map_of(entries.update(j, (entries[j].0, v))) == map_of(entries).insert(entries[j].0, v),
    decreases entries.len(),
{
    let k = entries[j].0;
    let t = entries.update(j, (k, v));
    if j == entries.len() - 1 {
        assert(t.drop_last() =~= entries.drop_last());
        assert(map_of(t) =~= map_of(entries).insert(k, v));
    } else {
        assert(t.drop_last() =~= entries.drop_last().update(j, (k, v)));
        lemma_map_of_update(entries.drop_last(), j, v);
        assert(entries.drop_last()[j] == entries[j]);
        assert(entries.last().0 != k);
        assert(map_of(t) =~= map_of(entries).insert(k, v));
    }
}

proof fn lemma_map_of_remove<V>(entries: Seq<(u32, V)>, j: int)
    requires
        unique_keys(entries),
        0 <= j < entries.len(),
    ensures
        map_of(entries.remove(j)) == map_of(entries).remove(entries[j].0),
        unique_keys(entries.remove(j)),
    decreases entries.len(),
{
    let k = entries[j].0;
    let t = entries.remove(j);
    assert forall|j1: int, j2: int| 0 <= j1 < j2 < t.len() implies (#[trigger] t[j1]).0 != (
    #[trigger] t[j2]).0 by {
        if j2 < j {
            assert(t[j1] == entries[j1] && t[j2] == entries[j2]);
        } else if j1 < j {
            assert(t[j1] == entries[j1] && t[j2] == entries[j2 + 1]);
        } else {
            assert(t[j1] == entries[j1 + 1] && t[j2] == entries[j2 + 1]);
        }
    }
    if j == entries.len() - 1 {
        assert(t =~= entries.drop_last());
        lemma_map_of_dom(entries.drop_last(), k);
        assert(!map_of(entries.drop_last()).dom().contains(k));
        assert(map_of(t) =~= map_of(entries).remove(k));
    } else {
        assert(t.drop_last() =~= entries.drop_last().remove(j));
        lemma_map_of_remove(entries.drop_last(), j);
        assert(entries.drop_last()[j] == entries[j]);
        assert(t.last() == entries.last());
        assert(entries.last().0 != k);
        assert(map_of(t) =~= map_of(entries).remove(k));
    }
}

/// A map from `u32` keys to values, kept as a vector of entries with unique
/// keys, in insertion order.
pub struct VecMap<V> {
    entries: Vec<(u32, V)>,
}

impl<V> View for VecMap<V> {
    type V = Map<u32, V>;

    closed spec fn view(&self) -> Map<u32, V> {
        map_of(self.entries@)
    }
}

impl<V> VecMap<V> {
    /// The entry keys are unique.
    pub closed spec fn wf(&self) -> bool {
        unique_keys(self.entries@)
    }

    pub fn new() -> (r: VecMap<V>)
        ensures
            r.wf(),
            r@ == Map::<u32, V>::empty(),
    {
        VecMap { entries: Vec::new() }
    }

    pub fn len(&self) -> (r: usize)
        requires
            self.wf(),
        ensures
            self@.dom().finite(),
            r == self@.dom().len(),
    {
        proof {
            lemma_map_of_dom_len(self.entries@);
        }
        self.entries.len()
    }

    fn index_of(&self, k: u32) -> (r: Option<usize>)
        ensures
            match r {
                Some(j) => j < self.entries@.len() && self.entries@[j as int].0 == k,
                None => forall|j: int|
                    0 <= j < self.entries@.len() ==> (#[trigger] self.entries@[j]).0 != k,
            },
    {
        let mut i: usize = 0;
        while i < self.entries.len()
            invariant
                i <= self.entries@.len(),
                forall|j: int| 0 <= j < i ==> (#[trigger] self.entries@[j]).0 != k,
            decreases self.entries@.len() - i,
        {
            if self.entries[i].0 == k {
                return Some(i);
            }
            i = i + 1;
        }
        None
    }

    pub fn contains_key(&self, k: u32) -> (r: bool)
        ensures
            r == self@.dom().contains(k),
    {
        proof {
            lemma_map_of_dom(self.entries@, k);
        }
        self.index_of(k).is_some()
    }

    pub fn get(&self, k: u32) -> (r: Option<&V>)
        requires
            self.wf(),
        ensures
            match r {
                Some(v) => self@.dom().contains(k) && *v == self@[k],
                None => !self@.dom().contains(k),
            },
    {
        proof {
            lemma_map_of_dom(self.entries@, k);
        }
        match self.index_of(k) {
            Some(j) => {
                proof {
                    lemma_map_of_get(self.entries@, j as int);
                }
                Some(&self.entries[j].1)
            },
            None => None,
        }
    }

    pub fn insert(&mut self, k: u32, v: V)
        requires
            old(self).wf(),
        ensures
            final(self).wf(),
            final(self)@ == old(self)@.insert(k, v),
    {
        match self.index_of(k) {
            Some(j) => {
                proof {
                    lemma_map_of_update(self.entries@, j as int, v);
                }
                self.entries[j] = (k, v);
            },
            None => {
                self.entries.push((k, v));
                proof {
                    assert(self.entries@.drop_last() =~= old(self).entries@);
                }
            },
        }
    }

    pub fn remove(&mut self, k: u32) -> (r: Option<V>)
        requires
            old(self).wf(),
        ensures
            final(self).wf(),
            final(self)@ == old(self)@.remove(k),
            match r {
                Some(v) => old(self)@.dom().contains(k) && v == old(self)@[k],
                None => !old(self)@.dom().contains(k),
            },
    {
        proof {
            lemma_map_of_dom(self.entries@, k);
        }
        match self.index_of(k) {
            Some(j) => {
                proof {
                    lemma_map_of_get(self.entries@, j as int);
                    lemma_map_of_remove(self.entries@, j as int);
                }
                let entry = self.entries.remove(j);
                Some(entry.1)
            },
            None => {
                proof {
                    assert(map_of(self.entries@) =~= map_of(self.entries@).remove(k));
                }
                None
            },
        }
    }

    /// Mutable access to the value under `k`.
    pub fn get_mut(&mut self, k: u32) -> (r: Option<&mut V>)
        requires
            old(self).wf(),
        ensures
            final(self).wf(),
            match r {
                Some(v) => old(self)@.dom().contains(k) && *v == old(self)@[k] && final(self)@
                    == old(self)@.insert(k, *final(v)),
                None => !old(self)@.dom().contains(k) && final(self)@ == old(self)@,
            },
    {
        proof {
            lemma_map_of_dom(self.entries@, k);
        }
        match self.index_of(k) {
            Some(j) => {
                proof {
                    lemma_map_of_get(self.entries@, j as int);
                    assert forall|v: V|
                        unique_keys(#[trigger] self.entries@.update(j as int, (k, v))) && map_of(
                            self.entries@.update(j as int, (k, v)),
                        ) == map_of(self.entries@).insert(k, v) by {
                        lemma_map_of_update(self.entries@, j as int, v);
                        let t = self.entries@.update(j as int, (k, v));
                        assert forall|j1: int, j2: int|
                            0 <= j1 < j2 < t.len() implies (#[trigger] t[j1]).0 != (
                        #[trigger] t[j2]).0 by {
                            assert(self.entries@[j1].0 != self.entries@[j2].0);
                        }
                    }
                }
                Some(&mut self.entries[j].1)
            },
            None => None,
        }
    }

    /// The entries, in insertion order.
    pub fn into_entries(self) -> (r: Vec<(u32, V)>)
        requires
            self.wf(),
        ensures
            unique_keys(r@),
            map_of(r@) == self@,
            r@.len() == self@.dom().len(),
    {
        proof {
            lemma_map_of_dom_len(self.entries@);
        }
        self.entries
    }

    /// All keys, in insertion order.
    pub fn keys(&self) -> (r: Vec<u32>)
        requires
            self.wf(),
        ensures
            r@.no_duplicates(),
            r@.to_set() == self@.dom(),
            r@.len() == self@.dom().len(),
            forall|k: u32| self@.dom().contains(k) ==> r@.contains(k),
            forall|j: int| 0 <= j < r@.len() ==> self@.dom().contains(#[trigger] r@[j]),
    {
        let mut r: Vec<u32> = Vec::new();
        let mut i: usize = 0;
        while i < self.entries.len()
            invariant
                i <= self.entries@.len(),
                r@.len() == i,
                forall|j: int| 0 <= j < i ==> r@[j] == (#[trigger] self.entries@[j]).0,
            decreases self.entries@.len() - i,
        {
            r.push(self.entries[i].0);
            i = i + 1;
        }
        proof {
            lemma_map_of_dom_len(self.entries@);
            assert forall|j1: int, j2: int| 0 <= j1 < j2 < r@.len() implies r@[j1] != r@[j2] by {
                assert(self.entries@[j1].0 != self.entries@[j2].0);
            }
            assert forall|k: u32| #[trigger] self@.dom().contains(k) implies r@.contains(k) by {
                lemma_map_of_dom(self.entries@, k);
                let j = choose|j: int|
                    0 <= j < self.entries@.len() && (#[trigger] self.entries@[j]).0 == k;
                assert(r@[j] == k);
            }
            assert forall|j: int| 0 <= j < r@.len() implies self@.dom().contains(
                #[trigger] r@[j],
            ) by {
                assert((#[trigger] self.entries@[j]).0 == r@[j]);
                lemma_map_of_dom(self.entries@, r@[j]);
            }
            assert forall|k: u32| #[trigger] r@.to_set().contains(k) implies self@.dom().contains(
                k,
            ) by {
                let j = choose|j: int| 0 <= j < r@.len() && r@[j] == k;
            }
            assert(r@.to_set() =~= self@.dom());
        }
        r
    }
}

} // verus!
