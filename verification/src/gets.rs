//! The binding side-table: a mapping from binding identifier to the ordered
//! sequence of requirement sets recorded at each of that binding's uses
//! during one pass. It lives only for the duration of one pass invocation.

use vstd::prelude::*;
use crate::columns::ColumnSet;
use crate::relation::Id;

verus! {

/// The abstract requirement lists of a vector of column sets.
pub open spec fn sets_view(v: Seq<ColumnSet>) -> Seq<Set<usize>> {
    Seq::new(v.len(), |i: int| v[i]@)
}

/// The map an association list stands for; later entries win, though a
/// well-formed table has distinct keys.
pub open spec fn table_view(s: Seq<(Id, Vec<ColumnSet>)>) -> Map<Id, Seq<Set<usize>>>
    decreases s.len(),
{
    if s.len() == 0 {
        Map::empty()
    } else {
        table_view(s.drop_last()).insert(s.last().0, sets_view(s.last().1@))
    }
}

/// No key occurs twice.
pub open spec fn distinct_keys(s: Seq<(Id, Vec<ColumnSet>)>) -> bool {
    forall|i: int, j: int| 0 <= i < j < s.len() ==> (#[trigger] s[i]).0 != (#[trigger] s[j]).0
}

/// A key absent from every entry is absent from the map.
proof fn lemma_absent(s: Seq<(Id, Vec<ColumnSet>)>, id: Id)
    requires
        forall|i: int| 0 <= i < s.len() ==> (#[trigger] s[i]).0 != id,
    ensures
        !table_view(s).contains_key(id),
    decreases s.len(),
{
    if s.len() > 0 {
        assert(forall|i: int| 0 <= i < s.drop_last().len()
            ==> (#[trigger] s.drop_last()[i]).0 != id);
        lemma_absent(s.drop_last(), id);
    }
}

/// For a table with distinct keys, the entry at `i` gives the map's value at
/// its key, and removing it removes exactly that key.
proof fn lemma_found(s: Seq<(Id, Vec<ColumnSet>)>, i: int)
    requires
        distinct_keys(s),
        0 <= i < s.len(),
    ensures
        table_view(s).contains_key(s[i].0),
        table_view(s)[s[i].0] == sets_view(s[i].1@),
        table_view(s.remove(i)) == table_view(s).remove(s[i].0),
        distinct_keys(s.remove(i)),
    decreases s.len(),
{
    let id = s[i].0;
    assert(distinct_keys(s.remove(i))) by {
        assert(forall|j: int| 0 <= j < s.remove(i).len()
            ==> #[trigger] s.remove(i)[j] == if j < i { s[j] } else { s[j + 1] });
    }
    if i == s.len() - 1 {
        assert(s.remove(i) =~= s.drop_last());
        assert(forall|j: int| 0 <= j < s.drop_last().len()
            ==> (#[trigger] s.drop_last()[j]).0 != id);
        lemma_absent(s.drop_last(), id);
        assert(table_view(s.remove(i)) =~= table_view(s).remove(id));
    } else {
        let s2 = s.drop_last();
        assert(distinct_keys(s2));
        lemma_found(s2, i);
        assert(s.remove(i).drop_last() =~= s2.remove(i));
        assert(s.remove(i).last() == s.last());
        assert(s.last().0 != id);
        assert(table_view(s.remove(i))
            == table_view(s2.remove(i)).insert(s.last().0, sets_view(s.last().1@)));
        assert(table_view(s.remove(i)) =~= table_view(s).remove(id));
    }
}

/// The binding side-table.
pub struct GetsTable {
    entries: Vec<(Id, Vec<ColumnSet>)>,
}

impl View for GetsTable {
    type V = Map<Id, Seq<Set<usize>>>;

    closed spec fn view(&self) -> Map<Id, Seq<Set<usize>>> {
        table_view(self.entries@)
    }
}

impl GetsTable {
    /// The table's keys never repeat.
    pub closed spec fn wf(&self) -> bool {
        distinct_keys(self.entries@)
    }

    pub fn new() -> (r: GetsTable)
        ensures
            r@ == Map::<Id, Seq<Set<usize>>>::empty(),
            r.wf(),
    {
        GetsTable { entries: Vec::new() }
    }

    /// The index of the entry holding `id`, if any.
    fn find(&self, id: Id) -> (r: Option<usize>)
        ensures
            match r {
                Some(i) => i < self.entries@.len() && self.entries@[i as int].0 == id,
                None => forall|j: int|
                    0 <= j < self.entries@.len() ==> (#[trigger] self.entries@[j]).0 != id,
            },
    {
        let n = self.entries.len();
        let mut i: usize = 0;
        while i < n
            invariant
                0 <= i <= n,
                n == self.entries@.len(),
                forall|j: int| 0 <= j < i ==> (#[trigger] self.entries@[j]).0 != id,
            decreases n - i,
        {
            if self.entries[i].0 == id {
                return Some(i);
            }
            i += 1;
        }
        None
    }

    /// Bind `id` to `sets`, handing back what was bound before, if anything.
    pub fn insert(&mut self, id: Id, sets: Vec<ColumnSet>) -> (r: Option<Vec<ColumnSet>>)
        requires
            old(self).wf(),
        ensures
            final(self).wf(),
            final(self)@ == old(self)@.insert(id, sets_view(sets@)),
            match r {
                Some(v) => old(self)@.contains_key(id) && sets_view(v@) == old(self)@[id],
                None => !old(self)@.contains_key(id),
            },
    {
        let found = self.find(id);
        match found {
            Some(i) => {
                proof {
                    lemma_found(self.entries@, i as int);
                }
                let (_, prior) = self.entries.remove(i);
                let ghost mid = self.entries@;
                self.entries.push((id, sets));
                proof {
                    assert(self.entries@.drop_last() =~= mid);
                    assert(self@ =~= old(self)@.insert(id, sets_view(sets@)));
                    assert(forall|j: int| 0 <= j < mid.len()
                        ==> (#[trigger] mid[j]).0 != id);
                }
                Some(prior)
            },
            None => {
                proof {
                    lemma_absent(self.entries@, id);
                }
                let ghost mid = self.entries@;
                self.entries.push((id, sets));
                proof {
                    assert(self.entries@.drop_last() =~= mid);
                    assert(self@ =~= old(self)@.insert(id, sets_view(sets@)));
                }
                None
            },
        }
    }

    /// Unbind `id`, handing back what was bound, if anything.
    pub fn remove(&mut self, id: Id) -> (r: Option<Vec<ColumnSet>>)
        requires
            old(self).wf(),
        ensures
            final(self).wf(),
            final(self)@ == old(self)@.remove(id),
            match r {
                Some(v) => old(self)@.contains_key(id) && sets_view(v@) == old(self)@[id],
                None => !old(self)@.contains_key(id),
            },
    {
        let found = self.find(id);
        match found {
            Some(i) => {
                proof {
                    lemma_found(self.entries@, i as int);
                }
                let (_, prior) = self.entries.remove(i);
                Some(prior)
            },
            None => {
                proof {
                    lemma_absent(self.entries@, id);
                    assert(self@ =~= old(self)@.remove(id));
                }
                None
            },
        }
    }

    /// Append one requirement set to the list recorded against `id`,
    /// creating the entry if the binding has none yet.
    pub fn push_requirement(&mut self, id: Id, cs: ColumnSet)
        requires
            old(self).wf(),
        ensures
            final(self).wf(),
            final(self)@ == old(self)@.insert(
                id,
                (if old(self)@.contains_key(id) {
                    old(self)@[id]
                } else {
                    Seq::<Set<usize>>::empty()
                }).push(cs@),
            ),
    {
        let found = self.find(id);
        match found {
            Some(i) => {
                proof {
                    lemma_found(self.entries@, i as int);
                }
                let (_, mut prior) = self.entries.remove(i);
                let ghost p0 = prior@;
                prior.push(cs);
                proof {
                    assert(sets_view(prior@) =~= sets_view(p0).push(cs@));
                }
                let ghost mid = self.entries@;
                self.entries.push((id, prior));
                proof {
                    assert(self.entries@.drop_last() =~= mid);
                    assert(forall|j: int| 0 <= j < mid.len()
                        ==> (#[trigger] mid[j]).0 != id);
                    assert(self@ =~= old(self)@.insert(id, old(self)@[id].push(cs@)));
                }
            },
            None => {
                proof {
                    lemma_absent(self.entries@, id);
                }
                let mut v: Vec<ColumnSet> = Vec::new();
                v.push(cs);
                proof {
                    assert(sets_view(v@) =~= Seq::<Set<usize>>::empty().push(cs@));
                }
                let ghost mid = self.entries@;
                self.entries.push((id, v));
                proof {
                    assert(self.entries@.drop_last() =~= mid);
                    assert(self@ =~= old(self)@.insert(
                        id,
                        Seq::<Set<usize>>::empty().push(cs@),
                    ));
                }
            },
        }
    }
}

} // verus!
