use vstd::prelude::*;

use crate::id::Id;

verus! {

/// The map described by an association list, later entries winning.  The
/// lists kept here always have unique keys, so the order never matters.
pub open spec fn map_of<V>(s: Seq<(Id, V)>) -> Map<Id, V>
    decreases s.len(),
{
    if s.len() == 0 {
        Map::empty()
    } else {
        map_of(s.drop_last()).insert(s.last().0, s.last().1)
    }
}

/// Key uniqueness of an association list.
pub open spec fn unique_ids<V>(s: Seq<(Id, V)>) -> bool {
    forall|i: int, j: int| 0 <= i < j < s.len() ==> (#[trigger] s[i]).0 != (#[trigger] s[j]).0
}

pub proof fn lemma_map_of_contains<V>(s: Seq<(Id, V)>, id: Id)
    ensures
        map_of(s).contains_key(id) <==> exists|i: int| 0 <= i < s.len() && (#[trigger] s[i]).0 == id,
    decreases s.len(),
{
    if s.len() > 0 {
        lemma_map_of_contains(s.drop_last(), id);
        if s.last().0 == id {
            assert(s[s.len() - 1].0 == id);
        } else if map_of(s).contains_key(id) {
            let i = choose|i: int| 0 <= i < s.drop_last().len() && (#[trigger] s.drop_last()[i]).0 == id;
            assert(s[i].0 == id);
        } else {
            assert forall|i: int| 0 <= i < s.len() && (#[trigger] s[i]).0 == id implies false by {
                if i < s.len() - 1 {
                    assert(s.drop_last()[i].0 == id);
                }
            }
        }
    }
}

pub proof fn lemma_map_of_index<V>(s: Seq<(Id, V)>, i: int)
    requires
        unique_ids(s),
        0 <= i < s.len(),
    ensures
        map_of(s).contains_key(s[i].0),
        map_of(s)[s[i].0] == s[i].1,
    decreases s.len(),
{
    if i == s.len() - 1 {
    } else {
        assert(s.drop_last()[i] == s[i]);
        lemma_map_of_index(s.drop_last(), i);
        assert(s[i].0 != s.last().0);
    }
}

pub proof fn lemma_map_of_len<V>(s: Seq<(Id, V)>)
    requires
        unique_ids(s),
    ensures
        map_of(s).dom().finite(),
        map_of(s).len() == s.len(),
    decreases s.len(),
{
    if s.len() > 0 {
        lemma_map_of_len(s.drop_last());
        lemma_map_of_contains(s.drop_last(), s.last().0);
    }
}

proof fn lemma_map_of_update<V>(s: Seq<(Id, V)>, i: int, v: V)
    requires
        unique_ids(s),
        0 <= i < s.len(),
    ensures
        map_of(s.update(i, (s[i].0, v))) == map_of(s).insert(s[i].0, v),
    decreases s.len(),
{
    let id = s[i].0;
    let t = s.update(i, (id, v));
    if i == s.len() - 1 {
        assert(t.drop_last() =~= s.drop_last());
        assert(map_of(t) =~= map_of(s).insert(id, v));
    } else {
        assert(t.drop_last() =~= s.drop_last().update(i, (id, v)));
        assert(s.drop_last()[i] == s[i]);
        lemma_map_of_update(s.drop_last(), i, v);
        assert(s.last().0 != id);
        assert(t.last() == s.last());
        assert(map_of(t) =~= map_of(s).insert(id, v));
    }
}

proof fn lemma_map_of_remove<V>(s: Seq<(Id, V)>, i: int)
    requires
        unique_ids(s),
        0 <= i < s.len(),
    ensures
        map_of(s.remove(i)) == map_of(s).remove(s[i].0),
    decreases s.len(),
{
    let id = s[i].0;
    if i == s.len() - 1 {
        assert(s.remove(i) =~= s.drop_last());
        lemma_map_of_contains(s.drop_last(), id);
        assert forall|j: int| 0 <= j < s.drop_last().len() implies (#[trigger] s.drop_last()[j]).0 != id by {
            assert(s[j] == s.drop_last()[j]);
        }
        assert(!map_of(s.drop_last()).contains_key(id));
        assert(map_of(s.remove(i)) =~= map_of(s).remove(id));
    } else {
        assert(s.remove(i).drop_last() =~= s.drop_last().remove(i));
        assert(s.remove(i).last() == s.last());
        assert(s.drop_last()[i] == s[i]);
        lemma_map_of_remove(s.drop_last(), i);
        assert(s.last().0 != id);
        assert(map_of(s.remove(i)) =~= map_of(s).remove(id));
    }
}

proof fn lemma_unique_update<V>(s: Seq<(Id, V)>, i: int, v: V)
    requires
        unique_ids(s),
        0 <= i < s.len(),
    ensures
        unique_ids(s.update(i, (s[i].0, v))),
{
    let t = s.update(i, (s[i].0, v));
    assert forall|a: int, b: int| 0 <= a < b < t.len() implies (#[trigger] t[a]).0 != (#[trigger] t[b]).0 by {
        assert(s[a].0 != s[b].0);
    }
}

/// Association table from identifiers to plain values with unique keys: the
/// in-memory form of the used-ids table and of the on-disk pack catalog.
pub struct IdMap<V> {
    entries: Vec<(Id, V)>,
}

impl<V> View for IdMap<V> {
    type V = Map<Id, V>;

    closed spec fn view(&self) -> Map<Id, V> {
        map_of(self.entries@)
    }
}

impl<V: Copy> IdMap<V> {
    /// The raw entry list; the iteration order of the table.
    pub closed spec fn entries_seq(self) -> Seq<(Id, V)> {
        self.entries@
    }

    pub closed spec fn wf(self) -> bool {
        unique_ids(self.entries@)
    }

    pub proof fn lemma_entries(self)
        requires
            self.wf(),
        ensures
            unique_ids(self.entries_seq()),
            self@ == map_of(self.entries_seq()),
            forall|i: int|
                0 <= i < self.entries_seq().len() ==> self@.contains_key(
                    (#[trigger] self.entries_seq()[i]).0,
                ) && self@[self.entries_seq()[i].0] == self.entries_seq()[i].1,
            forall|id: Id|
                #[trigger] self@.contains_key(id) ==> exists|i: int|
                    0 <= i < self.entries_seq().len() && (#[trigger] self.entries_seq()[i]).0 == id,
    {
        assert forall|i: int| 0 <= i < self.entries_seq().len() implies self@.contains_key(
            (#[trigger] self.entries_seq()[i]).0,
        ) && self@[self.entries_seq()[i].0] == self.entries_seq()[i].1 by {
            lemma_map_of_index(self.entries@, i);
        }
        assert forall|id: Id| #[trigger] self@.contains_key(id) implies exists|i: int|
            0 <= i < self.entries_seq().len() && (#[trigger] self.entries_seq()[i]).0 == id by {
            lemma_map_of_contains(self.entries@, id);
            let i = choose|i: int| 0 <= i < self.entries@.len() && (#[trigger] self.entries@[i]).0 == id;
            assert(self.entries_seq()[i].0 == id);
        }
    }

    pub fn new() -> (r: IdMap<V>)
        ensures
            r.wf(),
            r@ == Map::<Id, V>::empty(),
            r.entries_seq() == Seq::<(Id, V)>::empty(),
    {
        IdMap { entries: Vec::new() }
    }

    fn find(&self, id: Id) -> (r: Option<usize>)
        ensures
            match r {
                Some(i) => i < self.entries@.len() && self.entries@[i as int].0 == id,
                None => !map_of(self.entries@).contains_key(id),
            },
    {
        let n = self.entries.len();
        let mut i: usize = 0;
        while i < n
            invariant
                i <= n,
                n == self.entries@.len(),
                forall|j: int| 0 <= j < i ==> (#[trigger] self.entries@[j]).0 != id,
            decreases n - i,
        {
            if self.entries[i].0 == id {
                return Some(i);
            }
            i += 1;
        }
        proof {
            lemma_map_of_contains(self.entries@, id);
        }
        None
    }

    /// Whether `id` is a key of the table.
    pub fn contains(&self, id: Id) -> (r: bool)
        requires
            self.wf(),
        ensures
            r == self@.contains_key(id),
    {
        match self.find(id) {
            Some(i) => {
                proof {
                    lemma_map_of_index(self.entries@, i as int);
                }
                true
            },
            None => false,
        }
    }

    /// Look the value of `id` up.
    pub fn get(&self, id: Id) -> (r: Option<V>)
        requires
            self.wf(),
        ensures
            r == if self@.contains_key(id) {
                Some(self@[id])
            } else {
                None::<V>
            },
    {
        match self.find(id) {
            Some(i) => {
                proof {
                    lemma_map_of_index(self.entries@, i as int);
                }
                Some(self.entries[i].1)
            },
            None => None,
        }
    }

    /// Bind `id` to `v`, replacing any earlier binding.
    pub fn insert(&mut self, id: Id, v: V)
        requires
            old(self).wf(),
        ensures
            final(self).wf(),
            final(self)@ == old(self)@.insert(id, v),
    {
        match self.find(id) {
            Some(i) => {
                proof {
                    lemma_unique_update(self.entries@, i as int, v);
                    lemma_map_of_update(self.entries@, i as int, v);
                }
                self.entries[i] = (id, v);
            },
            None => {
                let ghost s = self.entries@;
                proof {
                    lemma_map_of_contains(s, id);
                }
                self.entries.push((id, v));
                proof {
                    assert(self.entries@.drop_last() =~= s);
                    assert(self.entries@.last() == (id, v));
                }
            },
        }
    }

    /// Drop the binding of `id`, handing its value back.
    pub fn remove(&mut self, id: Id) -> (r: Option<V>)
        requires
            old(self).wf(),
        ensures
            final(self).wf(),
            final(self)@ == old(self)@.remove(id),
            final(self).entries_seq().len() <= old(self).entries_seq().len(),
            r == if old(self)@.contains_key(id) {
                Some(old(self)@[id])
            } else {
                None::<V>
            },
    {
        match self.find(id) {
            Some(i) => {
                proof {
                    lemma_map_of_index(self.entries@, i as int);
                    lemma_map_of_remove(self.entries@, i as int);
                    let s = self.entries@;
                    let t = s.remove(i as int);
                    assert forall|a: int, b: int| 0 <= a < b < t.len() implies (#[trigger] t[a]).0
                        != (#[trigger] t[b]).0 by {
                        if b < i {
                            assert(t[a] == s[a] && t[b] == s[b]);
                        } else if a < i {
                            assert(t[a] == s[a] && t[b] == s[b + 1]);
                        } else {
                            assert(t[a] == s[a + 1] && t[b] == s[b + 1]);
                        }
                    }
                }
                let (_, v) = self.entries.remove(i);
                Some(v)
            },
            None => {
                proof {
                    assert(self@ =~= self@.remove(id));
                }
                None
            },
        }
    }

    /// The number of bindings.
    pub fn len(&self) -> (r: usize)
        requires
            self.wf(),
        ensures
            r == self.entries_seq().len(),
            r == self@.len(),
    {
        proof {
            lemma_map_of_len(self.entries@);
        }
        self.entries.len()
    }

    /// The entry at position `i` of the iteration order.
    pub fn entry_at(&self, i: usize) -> (r: (Id, V))
        requires
            i < self.entries_seq().len(),
    ensures
            r == self.entries_seq()[i as int],
    {
        self.entries[i]
    }
}

/// A set of identifiers: the record of pack ids already seen, and of packs
/// picked for repacking.
pub struct IdSet {
    elems: Vec<Id>,
}

impl View for IdSet {
    type V = Set<Id>;

    closed spec fn view(&self) -> Set<Id> {
        Set::new(|id: Id| self.elems@.contains(id))
    }
}

impl IdSet {
    pub fn new() -> (r: IdSet)
        ensures
            r@ == Set::<Id>::empty(),
    {
        let r = IdSet { elems: Vec::new() };
        proof {
            assert(r@ =~= Set::<Id>::empty());
        }
        r
    }

    pub fn contains(&self, id: Id) -> (r: bool)
        ensures
            r == self@.contains(id),
    {
        let n = self.elems.len();
        let mut i: usize = 0;
        while i < n
            invariant
                i <= n,
                n == self.elems@.len(),
                forall|j: int| 0 <= j < i ==> self.elems@[j] != id,
            decreases n - i,
        {
            if self.elems[i] == id {
                return true;
            }
            i += 1;
        }
        proof {
            assert(!self.elems@.contains(id));
        }
        false
    }

    /// Add `id`; the result tells whether it was new.
    pub fn insert(&mut self, id: Id) -> (r: bool)
        ensures
            final(self)@ == old(self)@.insert(id),
            r == !old(self)@.contains(id),
    {
        if self.contains(id) {
            proof {
                assert(self@ =~= self@.insert(id));
            }
            false
        } else {
            let ghost s = self.elems@;
            self.elems.push(id);
            proof {
                assert forall|x: Id| self@.contains(x) implies old(self)@.insert(id).contains(x) by {
                    if self.elems@.contains(x) {
                        let j = choose|j: int| 0 <= j < self.elems@.len() && self.elems@[j] == x;
                        if j < s.len() {
                            assert(s[j] == x);
                        }
                    }
                }
                assert forall|x: Id| old(self)@.insert(id).contains(x) implies self@.contains(x) by {
                    if x == id {
                        assert(self.elems@[s.len() as int] == id);
                    } else {
                        let j = choose|j: int| 0 <= j < s.len() && s[j] == x;
                        assert(self.elems@[j] == x);
                    }
                }
                assert(self@ =~= old(self)@.insert(id));
            }
            true
        }
    }
}

} // verus!
